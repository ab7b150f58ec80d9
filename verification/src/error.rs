//! The failures that the library reports.

use vstd::prelude::*;

verus! {

/// Why an operation was refused.
#[derive(Debug, Clone, Copy, PartialEq, Eq, Structural)]
pub enum Error {
    /// A buffer's length disagrees with the dimensions declared for it.
    SizeMismatch,
    /// No model file exists at the given path.
    ModelNotFound,
    /// The model file is in a format that the inference backend cannot load.
    UnsupportedModelFormat,
    /// The inference backend failed to execute the tensor.
    InferenceFailure,
}

} // verus!
