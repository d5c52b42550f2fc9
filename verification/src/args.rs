//! What the two batch operations are asked to do.
use vstd::prelude::*;

verus! {

/// The resolution at which grids are tessellated unless another is asked for.
pub const DEFAULT_TESSELLATE_RESOLUTION: u8 = 10;

/// The floor resolution of a combined map unless another is asked for.
pub const DEFAULT_COMBINE_RESOLUTION: u8 = 8;

/// The two batch operations.
#[derive(Clone, Debug, PartialEq, Eq)]
pub enum Args {
    Tessellate(Tessellate),
    Combine(Combine),
}

/// Tessellate population grids in their ASCII form into pairs of a cell and
/// a value.
#[derive(Clone, Debug, PartialEq, Eq)]
pub struct Tessellate {
    /// Intermediate resolution.
    pub resolution: u8,
    /// Input grid files.
    pub sources: Vec<String>,
    /// Output directory.
    pub outdir: String,
}

/// Combine several record streams into a single map at the given floor
/// resolution.
#[derive(Clone, Debug, PartialEq, Eq)]
pub struct Combine {
    /// Floor resolution.
    pub resolution: u8,
    /// Record stream files.
    pub sources: Vec<String>,
    /// Output file.
    pub output: String,
}

} // verus!
