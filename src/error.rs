use vstd::prelude::*;

verus! {

/// Size and alignment, in bytes, of one allocation request.
#[derive(Clone, Copy, Debug, PartialEq, Eq, Structural)]
pub struct AllocLayout {
    pub size: usize,
    pub align: usize,
}

/// Why a request for more room was refused.
#[derive(Clone, Copy, Debug, PartialEq, Eq, Structural)]
pub enum TryReserveErrorKind {
    /// The byte size of the allocation, or a count of elements, would not fit
    /// the addressable range (at most `isize::MAX` bytes).
    CapacityOverflow,
    /// The allocator declined a request of this layout.
    AllocError { layout: AllocLayout },
}

/// The error of the fallible growth entry points.
#[derive(Clone, Copy, Debug, PartialEq, Eq, Structural)]
pub struct TryReserveError {
    pub kind: TryReserveErrorKind,
}

impl TryReserveError {
    /// Details about the request that failed.
    pub fn kind(&self) -> (r: TryReserveErrorKind)
        ensures
            r == self.kind,
    {
        self.kind
    }
}

impl From<TryReserveErrorKind> for TryReserveError {
    fn from(kind: TryReserveErrorKind) -> (r: Self) {
        TryReserveError { kind }
    }
}

impl vstd::std_specs::convert::FromSpecImpl<TryReserveErrorKind> for TryReserveError {
    open spec fn obeys_from_spec() -> bool {
        true
    }

    open spec fn from_spec(kind: TryReserveErrorKind) -> Self {
        TryReserveError { kind }
    }
}

} // verus!
