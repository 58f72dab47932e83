//! The errors a sort can end in, one name for each cause.

use vstd::prelude::*;

verus! {

/// Why a sort was refused or given up. A caller can tell bad input from
/// missing hardware from a failure in the middle of the work.
#[derive(Clone, Copy, Debug, PartialEq, Eq, Structural)]
pub enum SortError {
    /// The array's length is greater than one and not a power of two.
    NotPowerOfTwo { len: usize },
    /// The array does not have the `2^log_len` elements the plan was made for.
    LengthMismatch { log_len: u32, len: usize },
    /// No accelerator could be had, or the kernel could not be built. Nothing
    /// was dispatched.
    BackendUnavailable,
    /// The dispatch at this index of the plan failed. The array may be left
    /// partly transformed.
    DispatchFailed { index: usize },
}

impl SortError {
    /// Whether the caller's input was at fault.
    pub open spec fn spec_is_precondition(&self) -> bool {
        self is NotPowerOfTwo || self is LengthMismatch
    }

    /// Whether the caller's input was at fault, and not the backend.
    #[verifier::when_used_as_spec(spec_is_precondition)]
    pub fn is_precondition(&self) -> (b: bool)
        ensures
            b == self.spec_is_precondition(),
    {
        match self {
            SortError::NotPowerOfTwo { .. } => true,
            SortError::LengthMismatch { .. } => true,
            SortError::BackendUnavailable => false,
            SortError::DispatchFailed { .. } => false,
        }
    }
}

} // verus!
