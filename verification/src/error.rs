//! What can go wrong while a grid is read, a record stream is decoded or a
//! key is looked up.
use vstd::prelude::*;

verus! {

/// The six fields of a grid header.
#[derive(Clone, Copy, Debug, PartialEq, Eq, Structural)]
pub enum HeaderField {
    Ncols,
    Nrows,
    Xllcorner,
    Yllcorner,
    Cellsize,
    NodataValue,
}

/// Why a grid could not be read.
#[derive(Clone, Copy, Debug, PartialEq, Eq, Structural)]
pub enum ParseFailure {
    /// Header line `line`, counted from zero, begins with a word that is no
    /// header key.
    UnexpectedKey { line: usize },
    /// The key of this field stands alone on its line.
    MissingValue(HeaderField),
    /// The value of this field is not of the field's kind.
    BadValue(HeaderField),
    /// The sample at this place is neither the no-data token nor a numeral.
    BadSample { row: usize, col: usize },
    /// This row does not hold `ncols` samples.
    RowWidth { row: usize },
    /// The grid does not hold `nrows` rows.
    RowCount,
}

/// Why an operation gave no result.
#[derive(Clone, Copy, Debug, PartialEq, Eq, Structural)]
pub enum GpwError {
    /// A token of a grid could not be read, or the grid has the wrong shape.
    Parse(ParseFailure),
    /// The header lines are over and a field is still without a value.
    IncompleteHeader,
    /// A record stream ends inside a record.
    MalformedRecordStream,
    /// A key that names no cell.
    InvalidAddress(u64),
}

} // verus!
