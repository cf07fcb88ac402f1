//! Remote-target discovery and resolution pipeline for an operator console.
//!
//! The library builds an inventory of hosts and the applications they serve,
//! renders that inventory as a flat candidate list for interactive selection,
//! resolves a selection back into a structured (host, application) identity,
//! and fills in the remaining parameters of a chosen remote operation.

pub mod cli;
pub mod codec;
pub mod compose;
pub mod discovery;
pub mod remote_app;
pub mod resolver;
pub mod selector;
pub mod store;
pub mod text;

use vstd::prelude::*;

verus! {

/// Operator configuration: where the inventory snapshot lives and which
/// hosts a discovery pass leaves out. The storage root is an explicit
/// value handed in by the caller, never read from ambient state.
pub struct Config {
    pub cache_dir: String,
    pub ignore_hosts: Vec<String>,
}

} // verus!
