use vstd::prelude::*;

verus! {

/// Why a trace could not be completed.
#[derive(Clone, Copy, Debug, PartialEq, Eq, Structural)]
pub enum TraceError {
    /// Every way forward was tried and undone back to the first pixel: the
    /// line does not close.
    NoPath,
    /// The exploration needed a pixel outside the image: the line or one of
    /// its crossing colours touches the border.
    OutOfBounds,
    /// A position on a search circle around a crossing colour lies beyond
    /// `i32` coordinates, or the search distance would pass `i32::MAX`.
    Overflow,
}

} // verus!
