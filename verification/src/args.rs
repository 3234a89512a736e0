//! The command line of the upgrader.

use vstd::prelude::*;

verus! {

/// The manifest to upgrade, and how many version lookups run at a time.
#[derive(Debug)]
pub struct Args {
    pub concurrency: usize,
    pub file: String,
}

} // verus!
