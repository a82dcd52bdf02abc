use vstd::prelude::*;

verus! {

/// Why a construction or an indexed access was refused.
#[derive(Clone, Copy, Debug, PartialEq, Eq, Structural)]
pub enum MatError {
    /// A row without elements was offered.
    EmptyRow,
    /// A row's length differs from that of the first row; the payload is the
    /// index of the first such row.
    InconsistentRowLength(usize),
    /// A matrix without rows was offered.
    EmptyMatrix,
    /// A row or element index lies past the end.
    IndexOutOfRange,
}

} // verus!
