//! The composite trace.

use vstd::prelude::*;

use crate::matrix::RowMajorMatrix;

verus! {

/// The trace of the whole circuit, one row per step.
#[derive(Clone, Debug)]
pub struct CompositeTrace {
    /// The cells, `TOTAL_TRACE_WIDTH` to a row.
    pub matrix: RowMajorMatrix,
}

} // verus!
