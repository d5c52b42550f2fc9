//! What the query server is started with.
use vstd::prelude::*;

verus! {

/// Serve population by cell.
#[derive(Clone, Debug, PartialEq, Eq)]
pub struct Cli {
    /// Path to the serialized pairs of a cell and a population.
    pub path: String,
}

} // verus!
