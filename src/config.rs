use vstd::prelude::*;

verus! {

/// Where to fetch blocks from an Esplora HTTP service.
#[derive(Debug, Clone)]
pub struct EsploraConfig {
    pub url: String,
}

/// Where to fetch blocks from a local node over RPC.
#[derive(Debug, Clone)]
pub struct NodeConfig {
    /// RPC address, e.g. "http://127.0.0.1:8332".
    pub rpc_address: String,
    /// Path of the node's cookie file.
    pub cookie_path: String,
}

} // verus!
