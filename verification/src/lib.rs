//! A caching proxy core: identifiers, file names, upstream paths, capacity
//! accounting and the least-recently-used cache state machine.
use vstd::prelude::*;

pub mod cache;
pub mod cache_store;
pub mod capacity;
pub mod config;
pub mod encoding;
pub mod errors;
pub mod filename;
pub mod lru_cache;
pub mod models;
pub mod response;
pub mod upstream;

verus! {

} // verus!
