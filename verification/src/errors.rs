//! Why a render call can fail. Computation is deterministic and pure, so a
//! failed call would fail again: no retries happen inside the engine.

use vstd::prelude::*;

verus! {

/// The ways a render call is refused. No partial work is performed: each
/// error is reported before any pixel of the output is produced.
#[derive(Clone, Copy, Debug, PartialEq, Eq, Structural)]
pub enum EngineError {
    /// A request invariant is violated: a zero image dimension, a zero
    /// chunk dimension, or a zero iteration budget.
    InvalidRequest,
    /// The output buffer's byte count does not fit in `usize`, so the
    /// buffer cannot be allocated.
    AllocationFailure,
    /// A grid's shape does not match its chunk's clipped dimensions.
    AssemblyMismatch,
}

} // verus!
