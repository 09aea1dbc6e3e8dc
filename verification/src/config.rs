use vstd::prelude::*;
use crate::chain::Chain;

verus! {

/// How a node starts: as a bootstrap node or not, on which chain, and the
/// addresses of the seeders it joins through.
#[derive(Clone, Debug)]
pub struct Config {
    pub bootstrap: bool,
    pub chain: Chain,
    pub seeders: Vec<String>,
}

impl Config {
    /// The default: not a bootstrap node, on the test chain, no seeders.
    pub fn new() -> (r: Config)
        ensures
            !r.bootstrap,
            r.chain == Chain::Test,
            r.seeders@.len() == 0,
    {
        Config { bootstrap: false, chain: Chain::Test, seeders: Vec::new() }
    }
}

} // verus!
