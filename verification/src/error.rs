//! The closed set of errors that the hypervisor's internal operations report.
use vstd::prelude::*;

verus! {

/// What went wrong in an internal operation.
#[derive(Clone, Copy, Debug, PartialEq, Eq, Structural)]
pub enum HvError {
    /// No frame or run of frames is left in the pool.
    NoMem,
    /// An argument is outside what the operation accepts.
    BadParam,
    /// The operation is not allowed in the current state.
    BadState,
    /// The address is not mapped.
    Unmapped,
    /// The region overlaps one that is already present.
    Overlap,
    /// The request is recognised but not served.
    Unsupported,
}

pub type HvResult<T = ()> = Result<T, HvError>;

} // verus!
