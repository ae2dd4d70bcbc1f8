use vstd::prelude::*;

verus! {

/// The one hard failure of the kernels.
#[derive(Clone, Copy, Debug, PartialEq, Eq, Structural)]
pub enum KernelError {
    /// Parallel arrays disagree in length, or a matrix is not square.
    ShapeMismatch,
}

} // verus!
