//! The batches of keys that move between nodes, and where to send them.

use vstd::prelude::*;
use std::collections::HashMap;

verus! {

/// A batch of keys held exclusively while it moves: the hash of each key,
/// and the key-value pairs themselves.
#[derive(Debug)]
pub struct Exclusive {
    pub keys_hash: HashMap<String, u128>,
    pub wb: HashMap<String, String>,
}

impl Exclusive {
    pub fn new(keys_hash: HashMap<String, u128>, wb: HashMap<String, String>) -> (r: Self)
        ensures
            r.keys_hash == keys_hash,
            r.wb == wb,
    {
        Self { keys_hash, wb }
    }
}

/// A batch to be sent on to `destination`.
#[derive(Debug)]
pub struct RedirectInfo {
    pub exclusive: Exclusive,
    pub destination: String,
}

} // verus!
