use vstd::prelude::*;

verus! {

/// Why an allocator operation was refused. A refused operation changes nothing.
#[derive(Clone, Copy, Debug, PartialEq, Eq, Structural)]
pub enum AllocError {
    /// No free range can hold the requested size at the requested alignment.
    OutOfSpace,
    /// The handle is not live: never issued, already freed, or cleared.
    UnknownHandle,
    /// A zero size or capacity, a non-power-of-two alignment, or a range
    /// that does not lie in free-able space.
    InvalidConfiguration,
}

} // verus!
