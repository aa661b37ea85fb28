//! The ways a conversion can fail.
use vstd::prelude::*;

verus! {

/// Which coordinate of a waypoint is meant.
#[derive(Debug, Clone, Copy, PartialEq, Eq, Structural)]
pub enum Axis {
    Latitude,
    Longitude,
}

/// Why a sequence of records cannot be laid out as a catalog.
#[derive(Debug, Clone, Copy, PartialEq, Eq, Structural)]
pub enum EncodeFault {
    /// There are more records than the header's count field can express.
    TooManyRecords { count: usize },
    /// The label of the record at `index` is wider than the label field.
    LabelTooLong { index: usize },
}

/// A failed conversion. Every failure ends the run; nothing is retried.
#[derive(Debug, Clone, Copy, PartialEq, Eq, Structural)]
pub enum ConvError {
    /// The waypoint at `index` has a coordinate that is not a number
    /// within the range of its axis.
    RangeError { index: usize, axis: Axis },
    /// The records do not fit the catalog format.
    EncodeError { fault: EncodeFault },
}

} // verus!
